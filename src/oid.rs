use vstd::prelude::*;
use vstd::string::StringSliceAdditionalSpecFns;

verus! {

/// Number of bytes in an object id.
pub const ID_LEN: usize = 20;

/// The lower-case ASCII hex digit of a value below 16.
pub open spec fn hex_digit(n: u8) -> u8 {
    if n < 10 {
        (48 + n) as u8
    } else {
        (87 + n) as u8
    }
}

/// Whether `c` is an ASCII hex digit, in either case.
pub open spec fn is_hex_digit(c: u8) -> bool {
    (48 <= c && c <= 57) || (97 <= c && c <= 102) || (65 <= c && c <= 70)
}

/// The value of an ASCII hex digit.
pub open spec fn digit_value(c: u8) -> u8 {
    if 48 <= c && c <= 57 {
        (c - 48) as u8
    } else if 97 <= c && c <= 102 {
        (c - 87) as u8
    } else {
        (c - 55) as u8
    }
}

/// Lower-case hex text of a byte string: two digits per byte, high nibble first.
pub open spec fn hex_of(b: Seq<u8>) -> Seq<u8> {
    Seq::new(
        2 * b.len(),
        |i: int|
            if i % 2 == 0 {
                hex_digit(b[i / 2] / 16)
            } else {
                hex_digit(b[i / 2] % 16)
            },
    )
}

/// Whether `s` is hex text: an even number of hex digits.
pub open spec fn is_hex_text(s: Seq<u8>) -> bool {
    s.len() % 2 == 0 && forall|i: int| 0 <= i < s.len() ==> is_hex_digit(#[trigger] s[i])
}

/// Whether `s` is hex text written with lower-case digits only.
pub open spec fn is_lower_hex_text(s: Seq<u8>) -> bool {
    s.len() % 2 == 0 && forall|i: int|
        0 <= i < s.len() ==> (48 <= #[trigger] s[i] <= 57 || 97 <= s[i] <= 102)
}

/// The bytes that hex text stands for.
pub open spec fn bytes_of_hex(s: Seq<u8>) -> Seq<u8> {
    Seq::new(
        s.len() / 2,
        |i: int| (digit_value(s[2 * i]) * 16 + digit_value(s[2 * i + 1])) as u8,
    )
}

/// An object id: the fixed-length content hash that names a stored object.
pub struct ObjectId {
    bytes: Vec<u8>,
}

impl View for ObjectId {
    type V = Seq<u8>;

    open spec fn view(&self) -> Seq<u8> {
        self.spec_bytes()
    }
}

impl ObjectId {
    pub closed spec fn spec_bytes(&self) -> Seq<u8> {
        self.bytes@
    }

    /// Every id holds exactly `ID_LEN` bytes.
    pub open spec fn wf(&self) -> bool {
        self@.len() == ID_LEN
    }

    /// The id made of `b`, if `b` has the length of an id.
    pub fn from_bytes(b: &[u8]) -> (r: Option<ObjectId>)
        ensures
            r.is_some() <==> b@.len() == ID_LEN,
            r matches Some(id) ==> id@ == b@ && id.wf(),
    {
        if b.len() != ID_LEN {
            return None;
        }
        let mut v: Vec<u8> = Vec::new();
        let mut i: usize = 0;
        while i < b.len()
            invariant
                i <= b@.len(),
                v@ == b@.subrange(0, i as int),
            decreases b@.len() - i,
        {
            v.push(b[i]);
            i = i + 1;
            proof {
                assert(v@ =~= b@.subrange(0, i as int));
            }
        }
        assert(v@ =~= b@);
        Some(ObjectId { bytes: v })
    }

    /// The bytes of the id.
    pub fn as_bytes(&self) -> (r: &[u8])
        ensures
            r@ == self@,
    {
        self.bytes.as_slice()
    }

    /// The byte at position `i`.
    pub fn byte(&self, i: usize) -> (r: u8)
        requires
            i < self@.len(),
        ensures
            r == self@[i as int],
    {
        self.bytes[i]
    }

    /// Whether two ids are the same.
    pub fn same(&self, other: &ObjectId) -> (r: bool)
        ensures
            r <==> self@ == other@,
    {
        if self.bytes.len() != other.bytes.len() {
            return false;
        }
        let mut i: usize = 0;
        while i < self.bytes.len()
            invariant
                self@.len() == other@.len(),
                i <= self@.len(),
                forall|j: int| 0 <= j < i ==> self@[j] == other@[j],
            decreases self@.len() - i,
        {
            if self.bytes[i] != other.bytes[i] {
                return false;
            }
            i = i + 1;
        }
        assert(self@ =~= other@);
        true
    }

    /// The lower-case hex text of the id.
    pub fn to_hex(&self) -> (r: Vec<u8>)
        requires
            self.wf(),
        ensures
            r@ == hex_of(self@),
    {
        hex_encode(&self.bytes)
    }

    /// The id written as `s`, if `s` is `2 * ID_LEN` hex digits (either case).
    pub fn from_hex(s: &str) -> (r: Option<ObjectId>)
        ensures
            r.is_some() <==> (s.spec_bytes().len() == 2 * ID_LEN && is_hex_text(s.spec_bytes())),
            r matches Some(id) ==> id@ == bytes_of_hex(s.spec_bytes()) && id.wf(),
    {
        let b = s.as_bytes();
        if b.len() != 2 * ID_LEN {
            return None;
        }
        match hex_decode(b) {
            Some(v) => Some(ObjectId { bytes: v }),
            None => None,
        }
    }
}

/// The hex digit of a value below 16.
pub fn hex_char(n: u8) -> (r: u8)
    requires
        n < 16,
    ensures
        r == hex_digit(n),
{
    if n < 10 {
        48 + n
    } else {
        87 + n
    }
}

/// The value of a hex digit, if `c` is one.
pub fn hex_value(c: u8) -> (r: Option<u8>)
    ensures
        r.is_some() <==> is_hex_digit(c),
        r matches Some(v) ==> v == digit_value(c) && v < 16,
{
    if 48 <= c && c <= 57 {
        Some(c - 48)
    } else if 97 <= c && c <= 102 {
        Some(c - 87)
    } else if 65 <= c && c <= 70 {
        Some(c - 55)
    } else {
        None
    }
}

/// Lower-case hex text of `b`.
pub fn hex_encode(b: &[u8]) -> (r: Vec<u8>)
    requires
        b@.len() <= usize::MAX / 2,
    ensures
        r@ == hex_of(b@),
{
    let mut out: Vec<u8> = Vec::new();
    let mut i: usize = 0;
    while i < b.len()
        invariant
            i <= b@.len(),
            b@.len() <= usize::MAX / 2,
            out@.len() == 2 * i,
            forall|j: int| 0 <= j < 2 * i ==> out@[j] == #[trigger] hex_of(b@)[j],
        decreases b@.len() - i,
    {
        let x = b[i];
        out.push(hex_char(x / 16));
        out.push(hex_char(x % 16));
        proof {
            assert(hex_of(b@)[2 * i as int] == hex_digit(x / 16));
            assert(hex_of(b@)[2 * i as int + 1] == hex_digit(x % 16));
        }
        i = i + 1;
    }
    assert(out@ =~= hex_of(b@));
    out
}

/// The bytes that `s` stands for, if `s` is hex text.
pub fn hex_decode(s: &[u8]) -> (r: Option<Vec<u8>>)
    ensures
        r.is_some() <==> is_hex_text(s@),
        r matches Some(v) ==> v@ == bytes_of_hex(s@),
{
    if s.len() % 2 != 0 {
        return None;
    }
    let mut out: Vec<u8> = Vec::new();
    let mut i: usize = 0;
    while i < s.len() / 2
        invariant
            s@.len() % 2 == 0,
            i <= s@.len() / 2,
            out@.len() == i,
            forall|j: int| 0 <= j < 2 * i ==> is_hex_digit(#[trigger] s@[j]),
            forall|j: int| 0 <= j < i ==> out@[j] == #[trigger] bytes_of_hex(s@)[j],
        decreases s@.len() / 2 - i,
    {
        let hi = match hex_value(s[2 * i]) {
            Some(v) => v,
            None => return None,
        };
        let lo = match hex_value(s[2 * i + 1]) {
            Some(v) => v,
            None => return None,
        };
        out.push(hi * 16 + lo);
        proof {
            assert(bytes_of_hex(s@)[i as int] == (digit_value(s@[2 * i as int]) * 16
                + digit_value(s@[2 * i as int + 1])) as u8);
        }
        i = i + 1;
        proof {
            assert forall|j: int| 0 <= j < 2 * i implies is_hex_digit(#[trigger] s@[j]) by {
                if j >= 2 * (i - 1) {
                    assert(j == 2 * (i - 1) || j == 2 * (i - 1) + 1);
                }
            }
        }
    }
    assert(out@ =~= bytes_of_hex(s@));
    Some(out)
}

/// Hex text of any byte string is lower-case hex text, and reading it back
/// gives the byte string again.
pub proof fn lemma_hex_round_trip(b: Seq<u8>)
    ensures
        is_lower_hex_text(hex_of(b)),
        is_hex_text(hex_of(b)),
        bytes_of_hex(hex_of(b)) == b,
{
    let h = hex_of(b);
    assert forall|i: int| 0 <= i < h.len() implies (48 <= #[trigger] h[i] <= 57 || 97 <= h[i]
        <= 102) && is_hex_digit(h[i]) by {
        let x = b[i / 2];
        assert(x / 16 < 16 && x % 16 < 16);
    }
    assert forall|i: int| 0 <= i < b.len() implies #[trigger] bytes_of_hex(h)[i] == b[i] by {
        let x = b[i];
        assert((2 * i) / 2 == i && (2 * i) % 2 == 0);
        assert((2 * i + 1) / 2 == i && (2 * i + 1) % 2 == 1);
        let hi = x / 16;
        let lo = x % 16;
        assert(digit_value(hex_digit(hi)) == hi);
        assert(digit_value(hex_digit(lo)) == lo);
        assert(hi * 16 + lo == x);
    }
    assert(bytes_of_hex(h) =~= b);
}

/// Lower-case hex text, read as bytes and written again, is the same text.
pub proof fn lemma_lower_hex_round_trip(s: Seq<u8>)
    requires
        is_lower_hex_text(s),
    ensures
        hex_of(bytes_of_hex(s)) == s,
{
    let b = bytes_of_hex(s);
    assert forall|i: int| 0 <= i < s.len() implies #[trigger] hex_of(b)[i] == s[i] by {
        let k = i / 2;
        assert(0 <= 2 * k && 2 * k + 1 < s.len());
        let hi = digit_value(s[2 * k]);
        let lo = digit_value(s[2 * k + 1]);
        assert(48 <= s[2 * k] <= 57 || 97 <= s[2 * k] <= 102);
        assert(48 <= s[2 * k + 1] <= 57 || 97 <= s[2 * k + 1] <= 102);
        assert(hi < 16 && lo < 16);
        let x = (hi * 16 + lo) as u8;
        assert(b[k] == x);
        assert(x / 16 == hi && x % 16 == lo) by (nonlinear_arith)
            requires
                hi < 16,
                lo < 16,
                x == hi * 16 + lo,
        ;
        if i % 2 == 0 {
            assert(i == 2 * k);
        } else {
            assert(i == 2 * k + 1);
        }
    }
    assert(hex_of(b) =~= s);
}

} // verus!

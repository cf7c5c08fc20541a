//! Strings of at most fifteen bytes, held inline in sixteen bytes.

use vstd::prelude::*;
use vstd::string::StringSliceAdditionalSpecFns;
use vstd::utf8::valid_utf8;
use crate::text::is_utf8;

verus! {

/// Why sixteen bytes are not a small string, or a text does not fit in one.
#[derive(Clone, Copy, Debug, PartialEq, Eq, Structural)]
pub enum BadSmallStringError {
    /// The text is longer than fifteen bytes; the field holds its length.
    TooLong(usize),
    /// The text is not valid UTF-8.
    BadUtf8,
}

/// A string of at most fifteen bytes of UTF-8. The first bytes hold the
/// text and the last byte holds its length.
#[derive(Clone, Copy, Debug, PartialEq, Eq, Hash)]
pub struct SmallString {
    inner: [u8; 16],
}

/// Whether sixteen bytes are the image of a small string: the length byte
/// is at most fifteen and the text before it is valid UTF-8.
pub open spec fn is_small_string(bytes: Seq<u8>) -> bool {
    &&& bytes.len() == 16
    &&& bytes[15] <= 15
    &&& valid_utf8(bytes.subrange(0, bytes[15] as int))
}

/// The sixteen bytes that hold `text`, zero padded, with the length last.
pub open spec fn small_string_image(text: Seq<u8>) -> Seq<u8> {
    Seq::new(
        16,
        |i: int|
            if i < text.len() {
                text[i]
            } else if i == 15 {
                text.len() as u8
            } else {
                0u8
            },
    )
}

/// The small string whose sixteen bytes are `bytes`.
pub open spec fn small_string_of(bytes: Seq<u8>) -> SmallString {
    choose|s: SmallString| s.bytes() == bytes
}

/// Every sixteen bytes are the bytes of some value of the type.
pub proof fn lemma_small_string_exists(bytes: Seq<u8>)
    requires
        bytes.len() == 16,
    ensures
        small_string_of(bytes).bytes() == bytes,
{
    broadcast use vstd::array::group_array_axioms;

    let a0 = vstd::array::spec_array_fill_for_copy_type::<u8, 16>(0u8);
    let a1 = vstd::array::spec_array_update(a0, 0, bytes[0]);
    let a2 = vstd::array::spec_array_update(a1, 1, bytes[1]);
    let a3 = vstd::array::spec_array_update(a2, 2, bytes[2]);
    let a4 = vstd::array::spec_array_update(a3, 3, bytes[3]);
    let a5 = vstd::array::spec_array_update(a4, 4, bytes[4]);
    let a6 = vstd::array::spec_array_update(a5, 5, bytes[5]);
    let a7 = vstd::array::spec_array_update(a6, 6, bytes[6]);
    let a8 = vstd::array::spec_array_update(a7, 7, bytes[7]);
    let a9 = vstd::array::spec_array_update(a8, 8, bytes[8]);
    let a10 = vstd::array::spec_array_update(a9, 9, bytes[9]);
    let a11 = vstd::array::spec_array_update(a10, 10, bytes[10]);
    let a12 = vstd::array::spec_array_update(a11, 11, bytes[11]);
    let a13 = vstd::array::spec_array_update(a12, 12, bytes[12]);
    let a14 = vstd::array::spec_array_update(a13, 13, bytes[13]);
    let a15 = vstd::array::spec_array_update(a14, 14, bytes[14]);
    let a16 = vstd::array::spec_array_update(a15, 15, bytes[15]);
    let witness = SmallString { inner: a16 };
    assert(witness.bytes() =~= bytes);
}

/// The sixteen bytes that hold a valid text of at most fifteen bytes are
/// those of a well-formed small string with that text.
pub proof fn lemma_small_string_image(text: Seq<u8>)
    requires
        text.len() <= 15,
        valid_utf8(text),
    ensures
        small_string_of(small_string_image(text)).wf(),
        small_string_of(small_string_image(text)).bytes() == small_string_image(text),
        small_string_of(small_string_image(text)).text() == text,
{
    let image = small_string_image(text);
    lemma_small_string_exists(image);
    assert(image.subrange(0, image[15] as int) =~= text);
}

/// A small string is the one that its own bytes stand for.
pub proof fn lemma_small_string_of(s: SmallString)
    ensures
        small_string_of(s.bytes()) == s,
{
    let c = small_string_of(s.bytes());
    assert(c.bytes() == s.bytes());
    c.lemma_bytes_injective(s);
}

impl SmallString {
    /// The sixteen bytes of the string.
    pub closed spec fn bytes(self) -> Seq<u8> {
        self.inner@
    }

    /// The text of the string.
    pub open spec fn text(self) -> Seq<u8> {
        self.bytes().subrange(0, self.bytes()[15] as int)
    }

    /// The invariant of a small string that was made by this module.
    pub open spec fn wf(self) -> bool {
        is_small_string(self.bytes())
    }

    /// A small string has sixteen bytes.
    pub proof fn lemma_bytes_len(self)
        ensures
            self.bytes().len() == 16,
    {
    }

    /// Values with the same sixteen bytes are the same value.
    pub proof fn lemma_bytes_injective(self, other: SmallString)
        requires
            self.bytes() == other.bytes(),
        ensures
            self == other,
    {
        assert forall|i: int| 0 <= i < 16 implies self.inner[i] == other.inner[i] by {
            assert(self.inner@[i] == other.inner@[i]);
        }
        assert(self.inner =~= other.inner);
    }

    /// The empty string.
    pub fn new() -> (s: SmallString)
        ensures
            s.wf(),
            s.text() == Seq::<u8>::empty(),
            s.bytes() == small_string_image(Seq::empty()),
    {
        let s = SmallString { inner: [0u8; 16] };
        proof {
            assert(s.bytes() =~= small_string_image(Seq::empty()));
            assert(s.text() =~= Seq::<u8>::empty());
            lemma_empty_is_utf8();
        }
        s
    }

    /// The small string that holds `value`, if it is at most fifteen bytes
    /// long.
    pub fn from_str(value: &str) -> (r: Result<SmallString, BadSmallStringError>)
        ensures
            value.spec_bytes().len() <= 15 ==> r is Ok,
            r matches Ok(s) ==> s.wf() && s.text() == value.spec_bytes() && s.bytes()
                == small_string_image(value.spec_bytes()),
            value.spec_bytes().len() > 15 ==> r == Err::<SmallString, _>(
                BadSmallStringError::TooLong(value.spec_bytes().len() as usize),
            ),
    {
        let src = value.as_bytes();
        let n: usize = src.len();
        if n > 15 {
            return Err(BadSmallStringError::TooLong(n));
        }
        let mut inner: [u8; 16] = [0u8; 16];
        let mut i: usize = 0;
        while i < n
            invariant
                i <= n <= 15,
                n == src@.len(),
                forall|j: int| 0 <= j < i ==> inner@[j] == src@[j],
                forall|j: int| i <= j < 16 ==> inner@[j] == 0u8,
            decreases n - i,
        {
            inner[i] = src[i];
            i = i + 1;
        }
        inner[15] = n as u8;
        let s = SmallString { inner };
        proof {
            assert(s.bytes() =~= small_string_image(src@));
            assert(s.text() =~= src@);
            vstd::utf8::encode_utf8_valid_utf8(value@);
        }
        Ok(s)
    }

    /// The small string that sixteen bytes hold, if they hold one.
    pub fn from_be_bytes(bytes: [u8; 16]) -> (r: Result<SmallString, BadSmallStringError>)
        ensures
            is_small_string(bytes@) <==> r is Ok,
            r matches Ok(s) ==> s.bytes() == bytes@ && s.wf(),
            r matches Err(e) ==> (if bytes@[15] > 15 {
                e == BadSmallStringError::TooLong(bytes@[15] as usize)
            } else {
                e == BadSmallStringError::BadUtf8
            }),
    {
        let n: usize = bytes[15] as usize;
        if n > 15 {
            return Err(BadSmallStringError::TooLong(n));
        }
        let text = vstd::slice::slice_subrange(bytes.as_slice(), 0, n);
        if is_utf8(text) {
            Ok(SmallString { inner: bytes })
        } else {
            Err(BadSmallStringError::BadUtf8)
        }
    }

    /// The sixteen bytes of the string.
    pub fn to_be_bytes(self) -> (b: [u8; 16])
        ensures
            b@ == self.bytes(),
    {
        self.inner
    }

    /// The length of the text in bytes.
    pub fn len(&self) -> (n: usize)
        ensures
            n == self.bytes()[15],
    {
        self.inner[15] as usize
    }

    /// Whether the text is empty.
    pub fn is_empty(&self) -> (b: bool)
        ensures
            b == (self.bytes()[15] == 0),
    {
        self.inner[15] == 0
    }

    /// The bytes of the text.
    pub fn as_bytes(&self) -> (b: &[u8])
        requires
            self.wf(),
        ensures
            b@ == self.text(),
    {
        let n: usize = self.inner[15] as usize;
        vstd::slice::slice_subrange(self.inner.as_slice(), 0, n)
    }
}

/// The empty byte string is valid UTF-8.
pub proof fn lemma_empty_is_utf8()
    ensures
        valid_utf8(Seq::<u8>::empty()),
{
    reveal_with_fuel(valid_utf8, 1);
}

} // verus!

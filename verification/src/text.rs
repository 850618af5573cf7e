//! Byte and text helpers shared by the servers: UTF-8 validation, byte
//! comparison and the Unicode white-space trimming of a line's end.
use vstd::prelude::*;
use vstd::string::StringSliceAdditionalSpecFns;
use vstd::utf8::valid_utf8;

verus! {

/// `std::str::from_utf8`: the bytes read as a string slice when they are
/// valid UTF-8 (the string's UTF-8 encoding is then the bytes themselves),
/// and nothing when they are not.
#[verifier::external_body]
pub(crate) fn str_from_utf8<'a>(bytes: &'a [u8]) -> (text: Option<&'a str>)
    ensures
        match text {
            Some(s) => valid_utf8(bytes@) && s.spec_bytes() == bytes@,
            None => !valid_utf8(bytes@),
        },
{
    std::str::from_utf8(bytes).ok()
}

/// Unicode's White_Space property, which `char::is_whitespace` tests.
pub open spec fn is_white_space(c: char) -> bool {
    let u = c as u32;
    ||| 0x9 <= u <= 0xD
    ||| u == 0x20
    ||| u == 0x85
    ||| u == 0xA0
    ||| u == 0x1680
    ||| 0x2000 <= u <= 0x200A
    ||| u == 0x2028
    ||| u == 0x2029
    ||| u == 0x202F
    ||| u == 0x205F
    ||| u == 0x3000
}

/// The characters without their trailing white space.
pub open spec fn trim_end_chars(s: Seq<char>) -> Seq<char>
    decreases s.len(),
{
    if s.len() > 0 && is_white_space(s.last()) {
        trim_end_chars(s.drop_last())
    } else {
        s
    }
}

/// `str::trim_end`: the string without its trailing white space, white space
/// being the characters with Unicode's White_Space property.
#[verifier::external_body]
pub(crate) fn trim_end<'a>(s: &'a str) -> (trimmed: &'a str)
    ensures
        trimmed@ == trim_end_chars(s@),
{
    s.trim_end()
}

/// Whether two byte slices hold the same bytes.
pub fn bytes_equal(a: &[u8], b: &[u8]) -> (equal: bool)
    ensures
        equal == (a@ == b@),
{
    if a.len() != b.len() {
        return false;
    }
    let mut k: usize = 0;
    while k < a.len()
        invariant
            a@.len() == b@.len(),
            k <= a@.len(),
            forall|j: int| 0 <= j < k ==> a@[j] == b@[j],
        decreases a@.len() - k,
    {
        if a[k] != b[k] {
            return false;
        }
        k = k + 1;
    }
    assert(a@ =~= b@);
    true
}

/// The position of the first occurrence of `byte`, if any.
pub fn find_byte(bytes: &[u8], byte: u8) -> (position: Option<usize>)
    ensures
        match position {
            Some(k) => bytes@.index_of_first(byte) == Some(k as int),
            None => bytes@.index_of_first(byte) is None,
        },
{
    let mut k: usize = 0;
    while k < bytes.len()
        invariant
            k <= bytes@.len(),
            forall|j: int| 0 <= j < k ==> bytes@[j] != byte,
        decreases bytes@.len() - k,
    {
        if bytes[k] == byte {
            proof {
                bytes@.index_of_first_ensures(byte);
                match bytes@.index_of_first(byte) {
                    Some(i) => {
                        assert(i == k);
                    },
                    None => {
                        assert(bytes@.contains(byte)) by {
                            assert(bytes@[k as int] == byte);
                        }
                    },
                }
            }
            return Some(k);
        }
        k = k + 1;
    }
    proof {
        bytes@.index_of_first_ensures(byte);
    }
    Option::None
}

} // verus!
